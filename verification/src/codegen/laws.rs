//! What holds of all emitted code: tuples stay within the runtime's limit,
//! alternatives keep their order, and calls go only to generated functions.
use super::code::{alt_code, char_test, chunk_alts, interleave, lemma_chunk_alts_len, sequence_code, CodeModel, TUPLE_LIMIT};
use super::expr::{arm_code, arms_code, expr_code, exprs_code, repeat_code, voided};
use crate::hir::expr::{ArmModel, IrModel};
use crate::hir::program::{refs_below, refs_below_all, refs_below_arms};
use vstd::prelude::*;

verus! {

/// Every tuple and every `alt` inside `c` has at most `TUPLE_LIMIT` elements.
pub open spec fn fits(c: CodeModel) -> bool
    decreases c,
{
    match c {
        CodeModel::Tuple(cs) => cs.len() <= TUPLE_LIMIT && all_fit(cs),
        CodeModel::Steps(cs) => all_fit(cs),
        CodeModel::Alt(cs) => cs.len() <= TUPLE_LIMIT && all_fit(cs),
        CodeModel::Void(x) => fits(*x),
        CodeModel::Opt(x) => fits(*x),
        CodeModel::Repeat(_, x) => fits(*x),
        CodeModel::Peek(x) => fits(*x),
        CodeModel::Not(x) => fits(*x),
        CodeModel::WithFlag(_, x) => fits(*x),
        CodeModel::WithCounter(_, _, x) => fits(*x),
        CodeModel::When(_, x) => fits(*x),
        CodeModel::DepthLimit(_, x) => fits(*x),
        CodeModel::Labeled(x, _) => fits(*x),
        _ => true,
    }
}

/// Every element of `cs` fits.
pub open spec fn all_fit(cs: Seq<CodeModel>) -> bool
    decreases cs,
{
    forall|i: int| 0 <= i < cs.len() ==> fits(#[trigger] cs[i])
}

/// Every call inside `c` goes to one of `names`.
pub open spec fn calls_within(c: CodeModel, names: Seq<Seq<char>>) -> bool
    decreases c,
{
    match c {
        CodeModel::Call(n) => names.contains(n),
        CodeModel::Tuple(cs) => all_calls_within(cs, names),
        CodeModel::Steps(cs) => all_calls_within(cs, names),
        CodeModel::Alt(cs) => all_calls_within(cs, names),
        CodeModel::Void(x) => calls_within(*x, names),
        CodeModel::Opt(x) => calls_within(*x, names),
        CodeModel::Repeat(_, x) => calls_within(*x, names),
        CodeModel::Peek(x) => calls_within(*x, names),
        CodeModel::Not(x) => calls_within(*x, names),
        CodeModel::WithFlag(_, x) => calls_within(*x, names),
        CodeModel::WithCounter(_, _, x) => calls_within(*x, names),
        CodeModel::When(_, x) => calls_within(*x, names),
        CodeModel::DepthLimit(_, x) => calls_within(*x, names),
        CodeModel::Labeled(x, _) => calls_within(*x, names),
        _ => true,
    }
}

/// Every call inside the elements of `cs` goes to one of `names`.
pub open spec fn all_calls_within(cs: Seq<CodeModel>, names: Seq<Seq<char>>) -> bool
    decreases cs,
{
    forall|i: int| 0 <= i < cs.len() ==> calls_within(#[trigger] cs[i], names)
}

/// The alternatives that an `alt` tree tries, in the order it tries them.
pub open spec fn alt_leaves(c: CodeModel) -> Seq<CodeModel>
    decreases c,
{
    match c {
        CodeModel::Alt(cs) => leaves_of(cs),
        _ => seq![c],
    }
}

/// The alternatives of each element of `cs`, one after another.
pub open spec fn leaves_of(cs: Seq<CodeModel>) -> Seq<CodeModel>
    decreases cs,
{
    if cs.len() == 0 {
        Seq::empty()
    } else {
        leaves_of(cs.subrange(0, cs.len() - 1)) + alt_leaves(cs[cs.len() - 1])
    }
}

/// No element of `cs` is itself an `alt`.
pub open spec fn no_alts(cs: Seq<CodeModel>) -> bool {
    forall|i: int| 0 <= i < cs.len() ==> !(#[trigger] cs[i] is Alt)
}

// ── Tuple limit ──

proof fn lemma_chunks_fit(s: Seq<CodeModel>)
    requires
        all_fit(s),
    ensures
        all_fit(chunk_alts(s)),
    decreases s.len(),
{
    if s.len() <= TUPLE_LIMIT {
        assert(fits(chunk_alts(s)[0]));
    } else {
        let head = s.take(TUPLE_LIMIT as int);
        let tail = s.skip(TUPLE_LIMIT as int);
        assert(all_fit(head)) by {
            assert forall|i: int| 0 <= i < head.len() implies fits(#[trigger] head[i]) by {
                assert(head[i] == s[i]);
            }
        }
        assert(all_fit(tail)) by {
            assert forall|i: int| 0 <= i < tail.len() implies fits(#[trigger] tail[i]) by {
                assert(tail[i] == s[i + TUPLE_LIMIT]);
            }
        }
        lemma_chunks_fit(tail);
        let c = chunk_alts(s);
        assert(c == seq![CodeModel::Alt(head)] + chunk_alts(tail));
        assert forall|i: int| 0 <= i < c.len() implies fits(#[trigger] c[i]) by {
            if i > 0 {
                assert(c[i] == chunk_alts(tail)[i - 1]);
            }
        }
    }
}

proof fn lemma_alt_fits(s: Seq<CodeModel>)
    requires
        all_fit(s),
    ensures
        fits(alt_code(s)),
    decreases s.len(),
{
    if s.len() > TUPLE_LIMIT {
        lemma_chunk_alts_len(s);
        lemma_chunks_fit(s);
        lemma_alt_fits(chunk_alts(s));
    }
}

proof fn lemma_sequence_fits(s: Seq<CodeModel>)
    requires
        all_fit(s),
    ensures
        fits(sequence_code(s)),
{
    reveal_with_fuel(fits, 2);
    if s.len() > 1 {
        let t = interleave(s);
        assert forall|j: int| 0 <= j < t.len() implies fits(#[trigger] t[j]) by {
            if j % 2 == 0 {
                assert(t[j] == s[j / 2]);
            }
        }
        assert(all_fit(t));
    }
}

proof fn lemma_voided_fit(s: Seq<CodeModel>)
    requires
        all_fit(s),
    ensures
        all_fit(voided(s)),
{
    assert forall|i: int| 0 <= i < voided(s).len() implies fits(#[trigger] voided(s)[i]) by {
        assert(fits(s[i]));
    }
}

proof fn lemma_exprs_fit(s: Seq<IrModel>, names: Seq<Seq<char>>)
    ensures
        all_fit(exprs_code(s, names)),
    decreases s,
{
    assert forall|i: int| 0 <= i < s.len() implies fits(#[trigger] exprs_code(s, names)[i]) by {
        lemma_expr_fits(s[i], names);
    }
}

proof fn lemma_arms_fit(s: Seq<ArmModel>, names: Seq<Seq<char>>)
    ensures
        all_fit(arms_code(s, names)),
    decreases s,
{
    reveal_with_fuel(fits, 4);
    assert forall|i: int| 0 <= i < s.len() implies fits(#[trigger] arms_code(s, names)[i]) by {
        assert(decreases_to!(s => s[i]));
        lemma_expr_fits(*s[i].expr, names);
        let body = expr_code(*s[i].expr, names);
        let pair = seq![
            CodeModel::Peek(Box::new(CodeModel::OneOf(char_test(s[i].ranges)))),
            CodeModel::Void(Box::new(body)),
        ];
        assert(fits(pair[0]));
        assert(fits(pair[1]));
        assert(all_fit(pair));
    }
}

/// Whatever an expression is, the code emitted for it keeps every tuple and
/// every `alt` within the parser runtime's limit of `TUPLE_LIMIT` elements:
/// longer sequences become a closure of steps, and longer choices nest.
pub proof fn law_code_within_tuple_limit(m: IrModel, names: Seq<Seq<char>>)
    ensures
        fits(expr_code(m, names)),
{
    lemma_expr_fits(m, names);
}

proof fn lemma_expr_fits(m: IrModel, names: Seq<Seq<char>>)
    ensures
        fits(expr_code(m, names)),
    decreases m,
{
    reveal_with_fuel(fits, 4);
    match m {
        IrModel::Sequence(items) => {
            lemma_exprs_fit(items, names);
            lemma_sequence_fits(exprs_code(items, names));
        },
        IrModel::Choice(items) => {
            lemma_exprs_fit(items, names);
            lemma_voided_fit(exprs_code(items, names));
            lemma_alt_fits(voided(exprs_code(items, names)));
        },
        IrModel::Dispatch(arms) => {
            lemma_arms_fit(arms, names);
            lemma_alt_fits(arms_code(arms, names));
        },
        IrModel::Repeat { expr, min, max } => {
            lemma_expr_fits(*expr, names);
        },
        IrModel::PosLookahead(inner) => {
            lemma_expr_fits(*inner, names);
        },
        IrModel::NegLookahead(inner) => {
            lemma_expr_fits(*inner, names);
        },
        IrModel::WithFlag { body, .. } => {
            lemma_expr_fits(*body, names);
        },
        IrModel::WithCounter { body, .. } => {
            lemma_expr_fits(*body, names);
        },
        IrModel::When { body, .. } => {
            lemma_expr_fits(*body, names);
        },
        IrModel::DepthLimit { body, .. } => {
            lemma_expr_fits(*body, names);
        },
        IrModel::Scan { specials, .. } => {
            lemma_arms_fit(specials, names);
            lemma_alt_fits(arms_code(specials, names));
            let c = expr_code(m, names);
            if let CodeModel::Repeat(_, x) = c {
                if let CodeModel::Alt(cs) = *x {
                    assert(fits(cs[0]));
                    assert(fits(cs[1]));
                    assert(all_fit(cs));
                }
            }
        },
        IrModel::Labeled { expr, .. } => {
            lemma_expr_fits(*expr, names);
        },
        IrModel::SeparatedList { first, rest } => {
            lemma_expr_fits(*first, names);
            lemma_expr_fits(*rest, names);
            let c = expr_code(m, names);
            if let CodeModel::Tuple(cs) = c {
                assert(fits(cs[0]));
                assert(fits(cs[1]));
                assert(all_fit(cs));
            }
        },
        IrModel::Delimited { body, .. } => {
            lemma_expr_fits(*body, names);
            let c = expr_code(m, names);
            if let CodeModel::Tuple(cs) = c {
                assert(fits(cs[0]));
                assert(fits(cs[1]));
                assert(fits(cs[2]));
                assert(all_fit(cs));
            }
        },
        _ => {},
    }
}

// ── Order of alternatives ──

proof fn lemma_leaves_concat(a: Seq<CodeModel>, b: Seq<CodeModel>)
    ensures
        leaves_of(a + b) == leaves_of(a) + leaves_of(b),
    decreases b.len(),
{
    if b.len() == 0 {
        assert(a + b =~= a);
        assert(leaves_of(b) =~= Seq::<CodeModel>::empty());
        assert(leaves_of(a) + leaves_of(b) =~= leaves_of(a));
    } else {
        let c = a + b;
        let b1 = b.subrange(0, b.len() - 1);
        assert(c.subrange(0, c.len() - 1) =~= a + b1);
        assert(c[c.len() - 1] == b[b.len() - 1]);
        lemma_leaves_concat(a, b1);
        assert(leaves_of(c) == leaves_of(a + b1) + alt_leaves(b[b.len() - 1]));
        assert(leaves_of(b) == leaves_of(b1) + alt_leaves(b[b.len() - 1]));
        assert(leaves_of(a) + leaves_of(b1) + alt_leaves(b[b.len() - 1]) =~= leaves_of(a) + (leaves_of(b1)
            + alt_leaves(b[b.len() - 1])));
    }
}

proof fn lemma_leaves_single(x: CodeModel)
    ensures
        leaves_of(seq![x]) == alt_leaves(x),
{
    assert(seq![x].subrange(0, 0) =~= Seq::<CodeModel>::empty());
    assert(leaves_of(Seq::<CodeModel>::empty()) =~= Seq::<CodeModel>::empty());
    assert(Seq::<CodeModel>::empty() + alt_leaves(x) =~= alt_leaves(x));
}

proof fn lemma_leaves_chunks(s: Seq<CodeModel>)
    ensures
        leaves_of(chunk_alts(s)) == leaves_of(s),
    decreases s.len(),
{
    if s.len() <= TUPLE_LIMIT {
        lemma_leaves_single(CodeModel::Alt(s));
    } else {
        let head = s.take(TUPLE_LIMIT as int);
        let tail = s.skip(TUPLE_LIMIT as int);
        lemma_leaves_chunks(tail);
        lemma_leaves_single(CodeModel::Alt(head));
        lemma_leaves_concat(seq![CodeModel::Alt(head)], chunk_alts(tail));
        lemma_leaves_concat(head, tail);
        assert(head + tail =~= s);
    }
}

proof fn lemma_alt_leaves(s: Seq<CodeModel>)
    ensures
        alt_leaves(alt_code(s)) == leaves_of(s),
    decreases s.len(),
{
    if s.len() > TUPLE_LIMIT {
        lemma_chunk_alts_len(s);
        lemma_alt_leaves(chunk_alts(s));
        lemma_leaves_chunks(s);
    }
}

proof fn lemma_leaves_plain(s: Seq<CodeModel>)
    requires
        no_alts(s),
    ensures
        leaves_of(s) == s,
    decreases s.len(),
{
    if s.len() > 0 {
        let s1 = s.subrange(0, s.len() - 1);
        assert(no_alts(s1)) by {
            assert forall|i: int| 0 <= i < s1.len() implies !(#[trigger] s1[i] is Alt) by {
                assert(s1[i] == s[i]);
            }
        }
        lemma_leaves_plain(s1);
        let last = s[s.len() - 1];
        assert(!(last is Alt));
        assert(alt_leaves(last) == seq![last]);
        assert(leaves_of(s) == leaves_of(s1) + alt_leaves(last));
        assert(s1 + seq![last] =~= s);
    } else {
        assert(s =~= Seq::<CodeModel>::empty());
    }
}

/// Grouping alternatives into nested `alt`s of at most `TUPLE_LIMIT`
/// changes neither which alternatives are tried nor their order.
pub proof fn law_alt_keeps_order(items: Seq<CodeModel>)
    requires
        no_alts(items),
    ensures
        alt_leaves(alt_code(items)) == items,
{
    lemma_alt_leaves(items);
    lemma_leaves_plain(items);
}

/// An ordered choice tries exactly its alternatives, each one's code with
/// its result discarded, in the order the grammar gives them; so does a
/// dispatch table with its arms.
pub proof fn law_choice_keeps_order(items: Seq<IrModel>, arms: Seq<ArmModel>, names: Seq<Seq<char>>)
    ensures
        alt_leaves(expr_code(IrModel::Choice(items), names)) == voided(exprs_code(items, names)),
        alt_leaves(expr_code(IrModel::Dispatch(arms), names)) == arms_code(arms, names),
{
    let v = voided(exprs_code(items, names));
    assert(no_alts(v));
    law_alt_keeps_order(v);
    let a = arms_code(arms, names);
    assert(no_alts(a));
    law_alt_keeps_order(a);
}

// ── Calls ──

proof fn lemma_chunks_calls(s: Seq<CodeModel>, names: Seq<Seq<char>>)
    requires
        all_calls_within(s, names),
    ensures
        all_calls_within(chunk_alts(s), names),
    decreases s.len(),
{
    reveal_with_fuel(calls_within, 2);
    if s.len() <= TUPLE_LIMIT {
        assert(calls_within(chunk_alts(s)[0], names));
    } else {
        let head = s.take(TUPLE_LIMIT as int);
        let tail = s.skip(TUPLE_LIMIT as int);
        assert(all_calls_within(head, names)) by {
            assert forall|i: int| 0 <= i < head.len() implies calls_within(#[trigger] head[i], names) by {
                assert(head[i] == s[i]);
            }
        }
        assert(all_calls_within(tail, names)) by {
            assert forall|i: int| 0 <= i < tail.len() implies calls_within(#[trigger] tail[i], names) by {
                assert(tail[i] == s[i + TUPLE_LIMIT]);
            }
        }
        lemma_chunks_calls(tail, names);
        let c = chunk_alts(s);
        assert(c == seq![CodeModel::Alt(head)] + chunk_alts(tail));
        assert forall|i: int| 0 <= i < c.len() implies calls_within(#[trigger] c[i], names) by {
            if i > 0 {
                assert(c[i] == chunk_alts(tail)[i - 1]);
            }
        }
    }
}

proof fn lemma_alt_calls(s: Seq<CodeModel>, names: Seq<Seq<char>>)
    requires
        all_calls_within(s, names),
    ensures
        calls_within(alt_code(s), names),
    decreases s.len(),
{
    reveal_with_fuel(calls_within, 2);
    if s.len() > TUPLE_LIMIT {
        lemma_chunk_alts_len(s);
        lemma_chunks_calls(s, names);
        lemma_alt_calls(chunk_alts(s), names);
    }
}

proof fn lemma_exprs_calls(s: Seq<IrModel>, names: Seq<Seq<char>>)
    requires
        refs_below_all(s, names.len()),
    ensures
        all_calls_within(exprs_code(s, names), names),
    decreases s,
{
    assert forall|i: int| 0 <= i < s.len() implies calls_within(#[trigger] exprs_code(s, names)[i], names) by {
        lemma_expr_calls(s[i], names);
    }
}

proof fn lemma_arms_calls(s: Seq<ArmModel>, names: Seq<Seq<char>>)
    requires
        refs_below_arms(s, names.len()),
    ensures
        all_calls_within(arms_code(s, names), names),
    decreases s,
{
    reveal_with_fuel(calls_within, 4);
    assert forall|i: int| 0 <= i < s.len() implies calls_within(#[trigger] arms_code(s, names)[i], names) by {
        assert(decreases_to!(s => s[i]));
        lemma_expr_calls(*s[i].expr, names);
        let body = expr_code(*s[i].expr, names);
        let pair = seq![
            CodeModel::Peek(Box::new(CodeModel::OneOf(char_test(s[i].ranges)))),
            CodeModel::Void(Box::new(body)),
        ];
        assert(calls_within(pair[0], names));
        assert(calls_within(pair[1], names));
        assert(all_calls_within(pair, names));
    }
}

/// The code emitted for an expression whose rule references all name rules
/// of the program calls only functions that the module generates, one per
/// rule.
pub proof fn law_calls_name_rules(m: IrModel, names: Seq<Seq<char>>)
    requires
        refs_below(m, names.len()),
    ensures
        calls_within(expr_code(m, names), names),
{
    lemma_expr_calls(m, names);
}

proof fn lemma_expr_calls(m: IrModel, names: Seq<Seq<char>>)
    requires
        refs_below(m, names.len()),
    ensures
        calls_within(expr_code(m, names), names),
    decreases m,
{
    reveal_with_fuel(calls_within, 4);
    match m {
        IrModel::RuleRef(i) => {
            assert(names[i as int] == names[i as int]);
        },
        IrModel::Sequence(items) => {
            lemma_exprs_calls(items, names);
            let s = exprs_code(items, names);
            if s.len() > 1 {
                let t = interleave(s);
                assert forall|j: int| 0 <= j < t.len() implies calls_within(#[trigger] t[j], names) by {
                    if j % 2 == 0 {
                        assert(t[j] == s[j / 2]);
                    }
                }
                assert(all_calls_within(t, names));
            }
        },
        IrModel::Choice(items) => {
            lemma_exprs_calls(items, names);
            let s = exprs_code(items, names);
            assert forall|i: int| 0 <= i < voided(s).len() implies calls_within(#[trigger] voided(s)[i], names) by {
                assert(calls_within(s[i], names));
            }
            lemma_alt_calls(voided(s), names);
        },
        IrModel::Dispatch(arms) => {
            lemma_arms_calls(arms, names);
            lemma_alt_calls(arms_code(arms, names), names);
        },
        IrModel::Repeat { expr, min, max } => {
            lemma_expr_calls(*expr, names);
        },
        IrModel::PosLookahead(inner) => {
            lemma_expr_calls(*inner, names);
        },
        IrModel::NegLookahead(inner) => {
            lemma_expr_calls(*inner, names);
        },
        IrModel::WithFlag { body, .. } => {
            lemma_expr_calls(*body, names);
        },
        IrModel::WithCounter { body, .. } => {
            lemma_expr_calls(*body, names);
        },
        IrModel::When { body, .. } => {
            lemma_expr_calls(*body, names);
        },
        IrModel::DepthLimit { body, .. } => {
            lemma_expr_calls(*body, names);
        },
        IrModel::Scan { specials, .. } => {
            lemma_arms_calls(specials, names);
            lemma_alt_calls(arms_code(specials, names), names);
            let c = expr_code(m, names);
            if let CodeModel::Repeat(_, x) = c {
                if let CodeModel::Alt(cs) = *x {
                    assert(calls_within(cs[0], names));
                    assert(calls_within(cs[1], names));
                    assert(all_calls_within(cs, names));
                }
            }
        },
        IrModel::Labeled { expr, .. } => {
            lemma_expr_calls(*expr, names);
        },
        IrModel::SeparatedList { first, rest } => {
            lemma_expr_calls(*first, names);
            lemma_expr_calls(*rest, names);
            let c = expr_code(m, names);
            if let CodeModel::Tuple(cs) = c {
                assert(calls_within(cs[0], names));
                assert(calls_within(cs[1], names));
                assert(all_calls_within(cs, names));
            }
        },
        IrModel::Delimited { body, .. } => {
            lemma_expr_calls(*body, names);
            let c = expr_code(m, names);
            if let CodeModel::Tuple(cs) = c {
                assert(calls_within(cs[0], names));
                assert(calls_within(cs[1], names));
                assert(calls_within(cs[2], names));
                assert(all_calls_within(cs, names));
            }
        },
        _ => {},
    }
}


// ── Delimited expressions ──

/// The code of a delimited expression holds, in order, the codes of the
/// three items of the sequence it stands for (opening literal, body,
/// closing literal), each as a value-less step.
pub proof fn law_delimited_code_in_order(open: Seq<char>, body: IrModel, close: Seq<char>, names: Seq<Seq<char>>)
    ensures
        expr_code(IrModel::Delimited { open, body: Box::new(body), close }, names) matches CodeModel::Tuple(cs)
            && cs.len() == 3 && forall|i: int| 0 <= i < 3 ==> #[trigger] cs[i] == CodeModel::Void(
            Box::new(exprs_code(seq![IrModel::Literal(open), body, IrModel::Literal(close)], names)[i]),
        ),
{
    let items = seq![IrModel::Literal(open), body, IrModel::Literal(close)];
    let e = exprs_code(items, names);
    assert(e[0] == expr_code(items[0], names));
    assert(e[1] == expr_code(items[1], names));
    assert(e[2] == expr_code(items[2], names));
}


// ── Terminals ──

/// A rule reference is a call of the rule's own name; a boundary stays the
/// same boundary; a literal is matched as the same text.
pub proof fn law_terminal_code(i: usize, b: crate::hir::expr::Boundary, s: Seq<char>, names: Seq<Seq<char>>)
    requires
        i < names.len(),
    ensures
        expr_code(IrModel::RuleRef(i), names) == CodeModel::Call(names[i as int]),
        expr_code(IrModel::Boundary(b), names) == CodeModel::Boundary(b),
        expr_code(IrModel::Literal(s), names) == CodeModel::Literal(s),
{
}

/// A repetition of zero or one is optional; any other repetition repeats
/// over its own bounds: at least `min` when unbounded, exactly `min` when
/// both bounds agree, else between them.
pub proof fn law_repeat_code_bounds(e: IrModel, min: u32, max: Option<u32>, names: Seq<Seq<char>>)
    ensures
        min == 0 && max == Some(1u32) ==> expr_code(IrModel::Repeat { expr: Box::new(e), min, max }, names)
            == CodeModel::Opt(Box::new(expr_code(e, names))),
        max is None ==> expr_code(IrModel::Repeat { expr: Box::new(e), min, max }, names) == CodeModel::Repeat(
            super::code::Span::AtLeast(min as usize),
            Box::new(expr_code(e, names)),
        ),
        max == Some(min) && !(min == 0 && max == Some(1u32)) ==> expr_code(
            IrModel::Repeat { expr: Box::new(e), min, max },
            names,
        ) == CodeModel::Repeat(super::code::Span::Exactly(min as usize), Box::new(expr_code(e, names))),
        max is Some && max->0 != min && !(min == 0 && max->0 == 1) ==> expr_code(
            IrModel::Repeat { expr: Box::new(e), min, max },
            names,
        ) == CodeModel::Repeat(super::code::Span::Between(min as usize, max->0 as usize), Box::new(expr_code(e, names))),
{
}


/// The code of a sequence of two or more items holds the items' codes in
/// order, with a position tracker between each two neighbours.
pub proof fn law_sequence_code_in_order(items: Seq<IrModel>, names: Seq<Seq<char>>, k: int)
    requires
        items.len() >= 2,
        0 <= k < items.len(),
    ensures
        expr_code(IrModel::Sequence(items), names) is Tuple || expr_code(IrModel::Sequence(items), names) is Steps,
        expr_code(IrModel::Sequence(items), names) is Tuple ==> expr_code(IrModel::Sequence(items), names)->Tuple_0[2 * k]
            == expr_code(items[k], names),
        expr_code(IrModel::Sequence(items), names) is Steps ==> expr_code(IrModel::Sequence(items), names)->Steps_0[2 * k]
            == expr_code(items[k], names),
        k + 1 < items.len() && expr_code(IrModel::Sequence(items), names) is Tuple ==> expr_code(
            IrModel::Sequence(items),
            names,
        )->Tuple_0[2 * k + 1] == CodeModel::TrackPos,
{
    let cs = exprs_code(items, names);
    assert(cs[k] == expr_code(items[k], names));
    assert(interleave(cs)[2 * k] == cs[(2 * k) / 2]);
    assert((2 * k) / 2 == k);
    if k + 1 < items.len() {
        assert((2 * k + 1) % 2 == 1);
    }
}

} // verus!
